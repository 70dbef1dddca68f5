//! The freedesktop.org trash: where an item goes, how its descriptor reads, and what restoring or
//! purging it touches. The file system work itself is done by the caller; this module decides.
use vstd::prelude::*;

use crate::{Error, TrashItem};

verus! {

pub const SEP: char = '/';

/// The characters of a string, in order.
pub(crate) fn chars_of(s: &str) -> (r: Vec<char>)
    ensures
        r@ == s@,
{
    let n = s.unicode_len();
    let mut out: Vec<char> = Vec::new();
    let mut i: usize = 0;
    while i < n
        invariant
            i <= n == s@.len(),
            out@ == s@.take(i as int),
        decreases n - i,
    {
        out.push(s.get_char(i));
        assert(out@ =~= s@.take(i + 1));
        i = i + 1;
    }
    assert(s@.take(n as int) =~= s@);
    out
}

/// Relies on `String::from_iter`: a string made of these characters, in order.
#[verifier::external_body]
pub(crate) fn string_of(v: &[char]) -> (r: String)
    ensures
        r@ == v@,
{
    v.iter().collect()
}

pub open spec fn digit_char(d: nat) -> char {
    if d == 0 {
        '0'
    } else if d == 1 {
        '1'
    } else if d == 2 {
        '2'
    } else if d == 3 {
        '3'
    } else if d == 4 {
        '4'
    } else if d == 5 {
        '5'
    } else if d == 6 {
        '6'
    } else if d == 7 {
        '7'
    } else if d == 8 {
        '8'
    } else {
        '9'
    }
}

/// The decimal digits of `n`, without leading zeros.
pub open spec fn decimal(n: nat) -> Seq<char>
    decreases n,
{
    if n < 10 {
        seq![digit_char(n)]
    } else {
        decimal(n / 10).push(digit_char(n % 10))
    }
}

/// The decimal digits of `n`, padded with zeros on the left to `width`.
pub open spec fn padded(n: nat, width: nat) -> Seq<char> {
    let d = decimal(n);
    if d.len() >= width {
        d
    } else {
        Seq::new((width - d.len()) as nat, |i: int| '0') + d
    }
}

proof fn lemma_decimal_len(n: nat)
    ensures
        decimal(n).len() >= 1,
        n >= 10 ==> decimal(n).len() >= 2,
    decreases n,
{
    if n >= 10 {
        lemma_decimal_len(n / 10);
    }
}

proof fn lemma_digit_injective(a: nat, b: nat)
    requires
        a < 10,
        b < 10,
        digit_char(a) == digit_char(b),
    ensures
        a == b,
{
}

/// Different numbers have different decimal digits.
pub proof fn lemma_decimal_injective(n: nat, m: nat)
    requires
        decimal(n) == decimal(m),
    ensures
        n == m,
    decreases n,
{
    lemma_decimal_len(n);
    lemma_decimal_len(m);
    if n < 10 && m < 10 {
        assert(decimal(n) == seq![digit_char(n)]);
        assert(decimal(m) == seq![digit_char(m)]);
        assert(seq![digit_char(n)][0] == digit_char(n));
        assert(seq![digit_char(m)][0] == digit_char(m));
        lemma_digit_injective(n, m);
    } else if n >= 10 && m >= 10 {
        let dn = decimal(n);
        let dm = decimal(m);
        assert(dn.last() == dm.last());
        lemma_digit_injective(n % 10, m % 10);
        assert(dn.drop_last() =~= decimal(n / 10));
        assert(dm.drop_last() =~= decimal(m / 10));
        lemma_decimal_injective(n / 10, m / 10);
    } else {
        assert(decimal(n).len() != decimal(m).len());
    }
}

fn digit(d: u64) -> (r: char)
    requires
        d < 10,
    ensures
        r == digit_char(d as nat),
{
    if d == 0 {
        '0'
    } else if d == 1 {
        '1'
    } else if d == 2 {
        '2'
    } else if d == 3 {
        '3'
    } else if d == 4 {
        '4'
    } else if d == 5 {
        '5'
    } else if d == 6 {
        '6'
    } else if d == 7 {
        '7'
    } else if d == 8 {
        '8'
    } else {
        '9'
    }
}

/// Appends the decimal digits of `n`.
fn push_decimal(out: &mut Vec<char>, n: u64)
    ensures
        final(out)@ == old(out)@ + decimal(n as nat),
    decreases n,
{
    if n < 10 {
        out.push(digit(n));
        assert(final(out)@ =~= old(out)@ + decimal(n as nat));
    } else {
        push_decimal(out, n / 10);
        out.push(digit(n % 10));
        assert(out@ =~= old(out)@ + decimal(n as nat));
    }
}

/// Appends the decimal digits of `n`, padded with zeros on the left to `width`.
fn push_padded(out: &mut Vec<char>, n: u64, width: usize)
    ensures
        final(out)@ == old(out)@ + padded(n as nat, width as nat),
{
    let mut digits: Vec<char> = Vec::new();
    push_decimal(&mut digits, n);
    assert(digits@ =~= decimal(n as nat));
    if digits.len() < width {
        let pad = width - digits.len();
        let mut i: usize = 0;
        while i < pad
            invariant
                i <= pad,
                out@ == old(out)@ + Seq::new(i as nat, |k: int| '0'),
            decreases pad - i,
        {
            out.push('0');
            assert(out@ =~= old(out)@ + Seq::new((i + 1) as nat, |k: int| '0'));
            i = i + 1;
        }
    }
    let ghost before = out@;
    append_chars(out, digits.as_slice());
    assert(out@ =~= old(out)@ + padded(n as nat, width as nat));
}

fn append_chars(out: &mut Vec<char>, chars: &[char])
    ensures
        final(out)@ == old(out)@ + chars@,
{
    let mut i: usize = 0;
    while i < chars.len()
        invariant
            i <= chars.len(),
            out@ == old(out)@ + chars@.subrange(0, i as int),
        decreases chars.len() - i,
    {
        out.push(chars[i]);
        assert(out@ =~= old(out)@ + chars@.subrange(0, i + 1));
        i = i + 1;
    }
    assert(chars@.subrange(0, i as int) =~= chars@);
}

fn append_range(out: &mut Vec<char>, chars: &[char], from: usize, to: usize)
    requires
        from <= to <= chars@.len(),
    ensures
        final(out)@ == old(out)@ + chars@.subrange(from as int, to as int),
{
    let mut i: usize = from;
    while i < to
        invariant
            from <= i <= to <= chars@.len(),
            out@ == old(out)@ + chars@.subrange(from as int, i as int),
        decreases to - i,
    {
        out.push(chars[i]);
        assert(out@ =~= old(out)@ + chars@.subrange(from as int, i + 1));
        i = i + 1;
    }
}

fn append_str(out: &mut Vec<char>, s: &str)
    ensures
        final(out)@ == old(out)@ + s@,
{
    let chars = chars_of(s);
    append_chars(out, chars.as_slice());
}

/// The decimal text of `n`.
pub fn decimal_string(n: u64) -> (r: String)
    ensures
        r@ == decimal(n as nat),
{
    let mut out: Vec<char> = Vec::new();
    push_decimal(&mut out, n);
    assert(out@ =~= decimal(n as nat));
    string_of(out.as_slice())
}

/// The name that the `n`-th attempt gives an item in the trash: the item's own name for the
/// first, then `name.2`, `name.3`, and so on.
pub open spec fn candidate_name(name: Seq<char>, n: nat) -> Seq<char> {
    if n <= 1 {
        name
    } else {
        name + seq!['.'] + decimal(n)
    }
}

/// Two different attempts never give one item the same name in the trash, so trashing items
/// that share a name never makes one take the place of another.
pub proof fn lemma_candidate_names_distinct(name: Seq<char>, n: nat, m: nat)
    requires
        1 <= n,
        1 <= m,
        n != m,
    ensures
        candidate_name(name, n) != candidate_name(name, m),
{
    lemma_decimal_len(n);
    lemma_decimal_len(m);
    if n > 1 && m > 1 {
        if candidate_name(name, n) == candidate_name(name, m) {
            let a = candidate_name(name, n);
            let b = candidate_name(name, m);
            let k: int = name.len() as int + 1;
            assert(a.subrange(k, a.len() as int) =~= decimal(n));
            assert(b.subrange(k, b.len() as int) =~= decimal(m));
            lemma_decimal_injective(n, m);
        }
    } else {
        assert(candidate_name(name, n).len() != candidate_name(name, m).len());
    }
}

/// The name in the trash for the `attempt`-th try at trashing an item called `file_name`.
pub fn in_trash_name(file_name: &str, attempt: u64) -> (r: String)
    ensures
        r@ == candidate_name(file_name@, attempt as nat),
{
    let mut out = chars_of(file_name);
    if attempt > 1 {
        out.push('.');
        push_decimal(&mut out, attempt);
    }
    assert(out@ =~= candidate_name(file_name@, attempt as nat));
    string_of(out.as_slice())
}

pub open spec fn info_name(name: Seq<char>) -> Seq<char> {
    name + ".trashinfo"@
}

/// The name of the descriptor that goes with an item named `name` in the trash.
pub fn info_file_name(name: &str) -> (r: String)
    ensures
        r@ == info_name(name@),
{
    let mut out = chars_of(name);
    append_str(&mut out, ".trashinfo");
    string_of(out.as_slice())
}

/// `name` under the directory `dir`: a `/` stands between them unless `dir` ends with one.
pub open spec fn join(dir: Seq<char>, name: Seq<char>) -> Seq<char> {
    if dir.len() > 0 && dir.last() == SEP {
        dir + name
    } else {
        dir + seq![SEP] + name
    }
}

/// Joins `name` under the directory `dir`.
pub fn join_path(dir: &str, name: &str) -> (r: String)
    ensures
        r@ == join(dir@, name@),
{
    let mut out = chars_of(dir);
    if out.len() == 0 || out[out.len() - 1] != SEP {
        out.push(SEP);
    }
    append_str(&mut out, name);
    assert(out@ =~= join(dir@, name@));
    string_of(out.as_slice())
}

/// The home trash: `Trash` under `$XDG_DATA_HOME` when that is set and not empty, else
/// `.local/share/Trash` under `$HOME` when that is set and not empty.
pub open spec fn home_trash_of(xdg_data_home: Option<Seq<char>>, home: Option<Seq<char>>) -> Option<
    Seq<char>,
> {
    if xdg_data_home is Some && xdg_data_home->Some_0.len() > 0 {
        Some(join(xdg_data_home->Some_0, "Trash"@))
    } else if home is Some && home->Some_0.len() > 0 {
        Some(join(home->Some_0, ".local/share/Trash"@))
    } else {
        None
    }
}

/// Finds the home trash from the values of `XDG_DATA_HOME` and `HOME`; fails with
/// `EnvironmentMissing` when neither is set to a non-empty value.
pub fn home_trash(xdg_data_home: Option<&str>, home: Option<&str>) -> (r: Result<String, Error>)
    ensures
        r is Ok <==> home_trash_of(
            match xdg_data_home {
                Some(s) => Some(s@),
                None => None,
            },
            match home {
                Some(s) => Some(s@),
                None => None,
            },
        ) is Some,
        r is Ok ==> Some(r->Ok_0@) == home_trash_of(
            match xdg_data_home {
                Some(s) => Some(s@),
                None => None,
            },
            match home {
                Some(s) => Some(s@),
                None => None,
            },
        ),
        r is Err ==> r->Err_0 == Error::EnvironmentMissing,
{
    if let Some(data_home) = xdg_data_home {
        if data_home.unicode_len() > 0 {
            return Ok(join_path(data_home, "Trash"));
        }
    }
    if let Some(home) = home {
        if home.unicode_len() > 0 {
            return Ok(join_path(home, ".local/share/Trash"));
        }
    }
    Err(Error::EnvironmentMissing)
}

/// `.Trash` under a mount point: the shared trash that holds one folder per user.
pub fn shared_trash_dir(topdir: &str) -> (r: String)
    ensures
        r@ == join(topdir@, ".Trash"@),
{
    join_path(topdir, ".Trash")
}

/// `.Trash/<uid>` under a mount point: the user's folder in the shared trash.
pub fn shared_user_trash_dir(topdir: &str, uid: u32) -> (r: String)
    ensures
        r@ == join(join(topdir@, ".Trash"@), decimal(uid as nat)),
{
    let shared = join_path(topdir, ".Trash");
    let id = decimal_string(uid as u64);
    join_path(shared.as_str(), id.as_str())
}

/// `.Trash-<uid>` under a mount point: the user's own trash there.
pub fn user_trash_dir(topdir: &str, uid: u32) -> (r: String)
    ensures
        r@ == join(topdir@, ".Trash-"@ + decimal(uid as nat)),
{
    let mut name: Vec<char> = Vec::new();
    append_str(&mut name, ".Trash-");
    push_decimal(&mut name, uid as u64);
    let name = string_of(name.as_slice());
    join_path(topdir, name.as_str())
}

/// The verdict on a shared `.Trash` folder.
#[derive(Clone, Copy, Debug, PartialEq, Eq, Structural)]
pub enum TrashValidity {
    Valid,
    InvalidSymlink,
    InvalidNotSticky,
}

/// The sticky bit of a file mode.
pub const STICKY_BIT: u32 = 0x200;

/// A shared `.Trash` folder may be used only when it is not a symbolic link and has the sticky
/// bit set.
pub fn folder_validity(is_symlink: bool, mode: u32) -> (r: TrashValidity)
    ensures
        r == if is_symlink {
            TrashValidity::InvalidSymlink
        } else if mode & STICKY_BIT == 0 {
            TrashValidity::InvalidNotSticky
        } else {
            TrashValidity::Valid
        },
{
    if is_symlink {
        return TrashValidity::InvalidSymlink;
    }
    if mode & STICKY_BIT == 0 {
        return TrashValidity::InvalidNotSticky;
    }
    TrashValidity::Valid
}

/// Which folders of a mount's trash an operation uses: the user's folder in the shared `.Trash`,
/// the user's own `.Trash-<uid>`, and whether the latter has to be made first.
#[derive(Clone, Copy, Debug, PartialEq, Eq, Structural)]
pub struct MountTrashPlan {
    pub use_shared: bool,
    pub use_own: bool,
    pub create_own: bool,
}

/// Picks the folders of a mount's trash. `shared` is the verdict on `.Trash`, `None` when it is
/// no directory; `users_is_dir` whether `.Trash/<uid>` is one; `own_is_dir` whether
/// `.Trash-<uid>` is one. The shared folder is used when `.Trash` is valid and holds the user's
/// folder, and then alone when `first_only` asks for one folder; else the own folder is used when
/// it exists, or made when `create` asks for it. An invalid `.Trash` is passed over, not an error.
pub fn plan_mount_trash(
    shared: Option<TrashValidity>,
    users_is_dir: bool,
    own_is_dir: bool,
    create: bool,
    first_only: bool,
) -> (r: MountTrashPlan)
    ensures
        r.use_shared == (shared == Some(TrashValidity::Valid) && users_is_dir),
        r.use_own == (!(r.use_shared && first_only) && (own_is_dir || create)),
        r.create_own == (r.use_own && !own_is_dir),
{
    let use_shared = match shared {
        Some(TrashValidity::Valid) => users_is_dir,
        _ => false,
    };
    if use_shared && first_only {
        return MountTrashPlan { use_shared: true, use_own: false, create_own: false };
    }
    MountTrashPlan { use_shared, use_own: own_is_dir || create, create_own: !own_is_dir && create }
}

/// What came of one step of moving an item into the trash under the attempt's name.
#[derive(Clone, Copy, Debug, PartialEq, Eq, Structural)]
pub enum MoveEvent {
    /// A descriptor of that name exists already.
    DescriptorTaken,
    /// The descriptor could not be made or written.
    DescriptorFailed,
    /// The descriptor is written; a placeholder of the content collided with an existing entry.
    PlaceholderTaken,
    /// The descriptor is written; moving the content failed otherwise.
    ContentFailed,
    /// The descriptor is written and the content moved.
    Moved,
}

/// What to do next while moving an item into the trash.
#[derive(Clone, Copy, Debug, PartialEq, Eq, Structural)]
pub enum MoveAction {
    /// Try the name of this attempt.
    TryName(u64),
    /// Remove the descriptor just written, then try the name of this attempt.
    RemoveDescriptorThenTry(u64),
    /// Give up with an error at the descriptor, or at the content unless `at_descriptor`;
    /// the descriptor is removed first when `remove_descriptor`.
    Fail { remove_descriptor: bool, at_descriptor: bool },
    /// The item is in the trash.
    Done,
}

/// Decides the next step of moving an item into the trash after the `attempt`-th name gave
/// `event`: a taken descriptor name moves on to the next name; a placeholder collision removes the
/// descriptor and moves on; a failed descriptor aborts and leaves what was written; a failed
/// content move removes the descriptor and aborts; a finished move is done.
pub fn move_step(attempt: u64, event: MoveEvent) -> (r: MoveAction)
    requires
        attempt < u64::MAX,
    ensures
        r == match event {
            MoveEvent::DescriptorTaken => MoveAction::TryName((attempt + 1) as u64),
            MoveEvent::DescriptorFailed => MoveAction::Fail {
                remove_descriptor: false,
                at_descriptor: true,
            },
            MoveEvent::PlaceholderTaken => MoveAction::RemoveDescriptorThenTry((attempt + 1) as u64),
            MoveEvent::ContentFailed => MoveAction::Fail {
                remove_descriptor: true,
                at_descriptor: false,
            },
            MoveEvent::Moved => MoveAction::Done,
        },
{
    match event {
        MoveEvent::DescriptorTaken => MoveAction::TryName(attempt + 1),
        MoveEvent::DescriptorFailed => MoveAction::Fail {
            remove_descriptor: false,
            at_descriptor: true,
        },
        MoveEvent::PlaceholderTaken => MoveAction::RemoveDescriptorThenTry(attempt + 1),
        MoveEvent::ContentFailed => MoveAction::Fail { remove_descriptor: true, at_descriptor: false },
        MoveEvent::Moved => MoveAction::Done,
    }
}

/// Whether `path` lies in the mount at `mount`: `mount` is a whole-component prefix of it. The
/// root mount is never taken, since the home trash serves it.
pub open spec fn mounted_under(path: Seq<char>, mount: Seq<char>) -> bool {
    &&& mount != seq![SEP]
    &&& mount.len() > 0
    &&& mount.len() <= path.len()
    &&& path.take(mount.len() as int) == mount
    &&& (path.len() == mount.len() || mount.last() == SEP || path[mount.len() as int] == SEP)
}

fn is_mounted_under(path: &[char], mount: &[char]) -> (r: bool)
    ensures
        r == mounted_under(path@, mount@),
{
    if mount.len() == 0 || mount.len() > path.len() {
        return false;
    }
    if mount.len() == 1 && mount[0] == SEP {
        assert(mount@ =~= seq![SEP]);
        return false;
    }
    assert(mount@ != seq![SEP]) by {
        if mount@ == seq![SEP] {
            assert(mount@.len() == 1 && mount@[0] == SEP);
        }
    }
    let mut i: usize = 0;
    while i < mount.len()
        invariant
            i <= mount.len() <= path.len(),
            forall|k: int| 0 <= k < i ==> path@[k] == mount@[k],
        decreases mount.len() - i,
    {
        if path[i] != mount[i] {
            assert(path@.take(mount@.len() as int)[i as int] != mount@[i as int]);
            return false;
        }
        i = i + 1;
    }
    assert(path@.take(mount@.len() as int) =~= mount@);
    path.len() == mount.len() || mount[mount.len() - 1] == SEP || path[mount.len()] == SEP
}

/// Picks the mount that holds `path`: the longest one that `mounted_under` admits, the first
/// of them on a tie; `None` when only the root mount holds it.
pub fn select_topdir(path: &str, mounts: &Vec<String>) -> (r: Option<usize>)
    ensures
        r is None ==> forall|j: int| 0 <= j < mounts@.len() ==> !mounted_under(path@, #[trigger] mounts@[j]@),
        r is Some ==> {
            let i = r->Some_0 as int;
            &&& 0 <= i < mounts@.len()
            &&& mounted_under(path@, mounts@[i]@)
            &&& forall|j: int|
                0 <= j < mounts@.len() && mounted_under(path@, #[trigger] mounts@[j]@) ==> mounts@[j]@.len() <= mounts@[i]@.len()
            &&& forall|j: int|
                0 <= j < i && mounted_under(path@, #[trigger] mounts@[j]@) ==> mounts@[j]@.len() < mounts@[i]@.len()
        },
{
    let p = chars_of(path);
    let mut best: Option<usize> = None;
    let mut best_len: usize = 0;
    let mut k: usize = 0;
    while k < mounts.len()
        invariant
            k <= mounts@.len(),
            p@ == path@,
            best is None ==> forall|j: int| 0 <= j < k ==> !mounted_under(path@, #[trigger] mounts@[j]@),
            best is Some ==> {
                let i = best->Some_0 as int;
                &&& 0 <= i < k
                &&& mounted_under(path@, mounts@[i]@)
                &&& best_len == mounts@[i]@.len()
                &&& forall|j: int|
                    0 <= j < k && mounted_under(path@, #[trigger] mounts@[j]@) ==> mounts@[j]@.len() <= best_len
                &&& forall|j: int|
                    0 <= j < i && mounted_under(path@, #[trigger] mounts@[j]@) ==> mounts@[j]@.len() < best_len
            },
        decreases mounts@.len() - k,
    {
        let m = chars_of(mounts[k].as_str());
        if is_mounted_under(p.as_slice(), m.as_slice()) {
            if best.is_none() || m.len() > best_len {
                best = Some(k);
                best_len = m.len();
            }
        }
        k = k + 1;
    }
    best
}


/// The percent-encoded path of the `file:` URL of an absolute path.
pub uninterp spec fn file_url_path(path: Seq<char>) -> Seq<char>;

/// The local path that a `file:` URL names, when it parses and names a path that is valid text.
pub uninterp spec fn path_of_file_url(url: Seq<char>) -> Option<Seq<char>>;

/// The seconds since the Unix epoch of an RFC 3339 date and time, when it parses.
pub uninterp spec fn rfc3339_timestamp(text: Seq<char>) -> Option<int>;

pub open spec fn is_absolute(path: Seq<char>) -> bool {
    path.len() > 0 && path[0] == SEP
}

/// Relies on `url::Url::from_file_path` and `Url::path`: an absolute path has a file URL, whose
/// path is the path's components, each percent-encoded, after a `/`.
#[verifier::external_body]
fn url_path_of_file(path: &str) -> (r: String)
    requires
        is_absolute(path@),
    ensures
        r@ == file_url_path(path@),
        is_absolute(r@),
{
    url::Url::from_file_path(path).unwrap().path().to_owned()
}

/// Relies on `url::Url::parse` and `Url::to_file_path`: the path that a `file:` URL names.
#[verifier::external_body]
fn file_of_url(url: &str) -> (r: Option<String>)
    ensures
        match r {
            Some(p) => path_of_file_url(url@) == Some(p@),
            None => path_of_file_url(url@) is None,
        },
{
    let path = url::Url::parse(url).ok()?.to_file_path().ok()?;
    path.to_str().map(|p| p.to_owned())
}

/// Relies on `chrono::DateTime::parse_from_rfc3339` and `DateTime::timestamp`: the seconds since
/// the Unix epoch of an RFC 3339 date and time.
#[verifier::external_body]
fn timestamp_of_rfc3339(text: &str) -> (r: Option<i64>)
    ensures
        match r {
            Some(t) => rfc3339_timestamp(text@) == Some(t as int),
            None => rfc3339_timestamp(text@) is None,
        },
{
    chrono::DateTime::<chrono::FixedOffset>::parse_from_rfc3339(text).ok().map(|d| d.timestamp())
}

pub open spec fn trim_leading_slashes(s: Seq<char>) -> Seq<char>
    decreases s.len(),
{
    if s.len() > 0 && s[0] == SEP {
        trim_leading_slashes(s.drop_first())
    } else {
        s
    }
}

/// The `Path` field for an item whose file URL path is `url_path`, trashed on the mount whose
/// directory has the file URL path `url_topdir`: the whole URL path on the root mount, else what
/// follows the mount's part, without leading slashes.
pub open spec fn encoded_path(url_path: Seq<char>, url_topdir: Seq<char>, topdir_is_root: bool) -> Seq<
    char,
> {
    if topdir_is_root {
        url_path
    } else if url_topdir.len() <= url_path.len() {
        trim_leading_slashes(url_path.skip(url_topdir.len() as int))
    } else {
        Seq::empty()
    }
}

/// The `Path` field of the descriptor for `path`, trashed on the mount at `topdir`.
pub fn encode_path(path: &str, topdir: &str) -> (r: String)
    requires
        is_absolute(path@),
        is_absolute(topdir@),
    ensures
        r@ == encoded_path(file_url_path(path@), file_url_path(topdir@), topdir@ == seq![SEP]),
{
    let absolute = url_path_of_file(path);
    let root = topdir.unicode_len() == 1 && topdir.get_char(0) == SEP;
    assert(root == (topdir@ == seq![SEP])) by {
        if topdir@ == seq![SEP] {
            assert(topdir@[0] == SEP);
        }
        if root {
            assert(topdir@ =~= seq![SEP]);
        }
    }
    let top = url_path_of_file(topdir);
    encoded_field(absolute.as_str(), top.as_str(), root)
}

/// The `Path` field for an item whose file URL path is `url_path`, trashed on the mount whose
/// directory has the file URL path `url_topdir` (see `encoded_path`).
pub fn encoded_field(url_path: &str, url_topdir: &str, topdir_is_root: bool) -> (r: String)
    ensures
        r@ == encoded_path(url_path@, url_topdir@, topdir_is_root),
{
    let a = chars_of(url_path);
    if topdir_is_root {
        return string_of(a.as_slice());
    }
    let t = chars_of(url_topdir);
    if t.len() > a.len() {
        return string_of(&[]);
    }
    let mut i: usize = t.len();
    assert(a@.skip(i as int) =~= a@.subrange(i as int, a@.len() as int));
    while i < a.len() && a[i] == SEP
        invariant
            t@.len() <= i <= a@.len(),
            trim_leading_slashes(a@.skip(t@.len() as int)) == trim_leading_slashes(
                a@.subrange(i as int, a@.len() as int),
            ),
        decreases a@.len() - i,
    {
        assert(a@.subrange(i as int, a@.len() as int).drop_first() =~= a@.subrange(
            i + 1,
            a@.len() as int,
        ));
        i = i + 1;
    }
    let ghost rest = a@.subrange(i as int, a@.len() as int);
    assert(trim_leading_slashes(rest) == rest);
    let mut out: Vec<char> = Vec::new();
    append_range(&mut out, a.as_slice(), i, a.len());
    assert(out@ =~= rest);
    string_of(out.as_slice())
}

/// A path without one trailing `/`, unless it is the root.
pub open spec fn without_trailing_slash(p: Seq<char>) -> Seq<char> {
    if p.len() > 1 && p.last() == SEP {
        p.drop_last()
    } else {
        p
    }
}

fn drop_trailing_slash(p: &str) -> (r: String)
    ensures
        r@ == without_trailing_slash(p@),
{
    let chars = chars_of(p);
    let n = chars.len();
    let mut out: Vec<char> = Vec::new();
    if n > 1 && chars[n - 1] == SEP {
        append_range(&mut out, chars.as_slice(), 0, n - 1);
        assert(out@ =~= p@.drop_last());
    } else {
        append_chars(&mut out, chars.as_slice());
    }
    string_of(out.as_slice())
}

/// Where a `Path` field leads, as the path of a file URL: an absolute field stands for itself,
/// and a relative one lies under the file URL path of the mount's directory `topdir`, so that
/// the field alone is percent-decoded.
pub open spec fn resolved_field(field: Seq<char>, topdir: Seq<char>) -> Seq<char> {
    if is_absolute(field) {
        field
    } else {
        join(file_url_path(topdir), field)
    }
}

/// The original path that a `Path` field names, for a trash on the mount at `topdir`, without
/// a trailing `/` (a file URL whose last part ends in a letter and `:` or `|` gets one); `None`
/// when the field is not a valid file URL path.
pub fn decode_path(field: &str, topdir: &str) -> (r: Option<String>)
    requires
        is_absolute(topdir@),
    ensures
        match r {
            Some(p) => exists|d: Seq<char>|
                path_of_file_url("file://"@ + resolved_field(field@, topdir@)) == Some(d)
                    && p@ == without_trailing_slash(d),
            None => path_of_file_url("file://"@ + resolved_field(field@, topdir@)) is None,
        },
{
    let mut url: Vec<char> = Vec::new();
    append_str(&mut url, "file://");
    if field.unicode_len() > 0 && field.get_char(0) == SEP {
        append_str(&mut url, field);
    } else {
        let base = url_path_of_file(topdir);
        let full = join_path(base.as_str(), field);
        append_str(&mut url, full.as_str());
    }
    let url = string_of(url.as_slice());
    match file_of_url(url.as_str()) {
        Some(d) => Some(drop_trailing_slash(d.as_str())),
        None => None,
    }
}

/// Decoding the `Path` field that `encode_path` writes gives what decoding the trashed path's
/// own file URL gives: on the root mount the field is that URL's whole path, and on another
/// mount, whose file URL path leads that of the trashed path, the field is what follows it.
pub proof fn lemma_encoded_path_resolves(path: Seq<char>, topdir: Seq<char>)
    requires
        is_absolute(path),
        is_absolute(topdir),
        is_absolute(file_url_path(path)),
        topdir == seq![SEP] || {
            let u = file_url_path(path);
            let t = file_url_path(topdir);
            &&& t.len() > 0
            &&& t.last() != SEP
            &&& u.len() > t.len()
            &&& u.take(t.len() as int) == t
            &&& u[t.len() as int] == SEP
            &&& (u.len() == t.len() + 1 || u[t.len() as int + 1] != SEP)
        },
    ensures
        path_of_file_url(
            "file://"@ + resolved_field(
                encoded_path(file_url_path(path), file_url_path(topdir), topdir == seq![SEP]),
                topdir,
            ),
        ) == path_of_file_url("file://"@ + file_url_path(path)),
{
    let u = file_url_path(path);
    let t = file_url_path(topdir);
    if topdir != seq![SEP] {
        let n = t.len() as int;
        let rest = u.subrange(n + 1, u.len() as int);
        assert(u.skip(n).drop_first() =~= rest);
        assert(trim_leading_slashes(rest) == rest);
        assert(join(t, rest) =~= u);
        assert(resolved_field(rest, topdir) == u);
    }
}

/// The text of a descriptor.
pub open spec fn descriptor(path_field: Seq<char>, deletion_date: Seq<char>) -> Seq<char> {
    "[Trash Info]\nPath="@ + path_field + "\nDeletionDate="@ + deletion_date + "\n"@
}

/// Writes the descriptor of a trashed item from its `Path` field and deletion date.
pub fn descriptor_text(path_field: &str, deletion_date: &str) -> (r: String)
    ensures
        r@ == descriptor(path_field@, deletion_date@),
{
    let mut out: Vec<char> = Vec::new();
    append_str(&mut out, "[Trash Info]\nPath=");
    append_str(&mut out, path_field);
    append_str(&mut out, "\nDeletionDate=");
    append_str(&mut out, deletion_date);
    append_str(&mut out, "\n");
    assert(out@ =~= descriptor(path_field@, deletion_date@));
    string_of(out.as_slice())
}

/// A local date and time in the `YYYY-MM-DDThh:mm:ss` form of the trash descriptors.
pub open spec fn deletion_date(
    year: nat,
    month: nat,
    day: nat,
    hour: nat,
    minute: nat,
    second: nat,
) -> Seq<char> {
    padded(year, 4) + "-"@ + padded(month, 2) + "-"@ + padded(day, 2) + "T"@ + padded(hour, 2)
        + ":"@ + padded(minute, 2) + ":"@ + padded(second, 2)
}

/// Writes a local date and time as `YYYY-MM-DDThh:mm:ss`.
pub fn format_deletion_date(
    year: u32,
    month: u32,
    day: u32,
    hour: u32,
    minute: u32,
    second: u32,
) -> (r: String)
    ensures
        r@ == deletion_date(
            year as nat,
            month as nat,
            day as nat,
            hour as nat,
            minute as nat,
            second as nat,
        ),
{
    proof {
        reveal_strlit("-");
        reveal_strlit("T");
        reveal_strlit(":");
    }
    let mut out: Vec<char> = Vec::new();
    push_padded(&mut out, year as u64, 4);
    out.push('-');
    push_padded(&mut out, month as u64, 2);
    out.push('-');
    push_padded(&mut out, day as u64, 2);
    out.push('T');
    push_padded(&mut out, hour as u64, 2);
    out.push(':');
    push_padded(&mut out, minute as u64, 2);
    out.push(':');
    push_padded(&mut out, second as u64, 2);
    assert(out@ =~= deletion_date(
        year as nat,
        month as nat,
        day as nat,
        hour as nat,
        minute as nat,
        second as nat,
    ));
    string_of(out.as_slice())
}

/// The index of the last `c` in `s`, or -1.
pub open spec fn last_index(s: Seq<char>, c: char) -> int
    decreases s.len(),
{
    if s.len() == 0 {
        -1
    } else if s.last() == c {
        s.len() - 1
    } else {
        last_index(s.drop_last(), c)
    }
}

proof fn lemma_last_index_bounds(s: Seq<char>, c: char)
    ensures
        -1 <= last_index(s, c) < s.len(),
        last_index(s, c) >= 0 ==> s[last_index(s, c)] == c,
    decreases s.len(),
{
    if s.len() > 0 && s.last() != c {
        lemma_last_index_bounds(s.drop_last(), c);
    }
}

fn find_last(s: &[char], c: char) -> (r: Option<usize>)
    ensures
        match r {
            Some(k) => last_index(s@, c) == k as int,
            None => last_index(s@, c) == -1,
        },
{
    let mut i: usize = s.len();
    assert(s@.take(i as int) =~= s@);
    while i > 0
        invariant
            i <= s@.len(),
            last_index(s@, c) == last_index(s@.take(i as int), c),
        decreases i,
    {
        assert(s@.take(i as int).drop_last() =~= s@.take(i - 1));
        if s[i - 1] == c {
            return Some(i - 1);
        }
        i = i - 1;
    }
    None
}

/// The directory part and the name of a path, split at its last `/`; `None` when it has no
/// `/`. The directory of a name right under the root is `/`.
pub open spec fn split_last(path: Seq<char>) -> Option<(Seq<char>, Seq<char>)> {
    let k = last_index(path, SEP);
    if k < 0 {
        None
    } else {
        Some(
            (
                if k == 0 {
                    seq![SEP]
                } else {
                    path.take(k)
                },
                path.skip(k + 1),
            ),
        )
    }
}

fn split_at_last_slash(path: &[char]) -> (r: Option<(Vec<char>, Vec<char>)>)
    ensures
        match r {
            Some((dir, name)) => split_last(path@) == Some((dir@, name@)),
            None => split_last(path@) is None,
        },
{
    match find_last(path, SEP) {
        None => None,
        Some(k) => {
            proof {
                lemma_last_index_bounds(path@, SEP);
            }
            let mut dir: Vec<char> = Vec::new();
            if k == 0 {
                dir.push(SEP);
            } else {
                append_range(&mut dir, path, 0, k);
            }
            let mut name: Vec<char> = Vec::new();
            let n = path.len();
            assert(k < n);
            append_range(&mut name, path, k + 1, n);
            assert(dir@ =~= (if k == 0 {
                seq![SEP]
            } else {
                path@.take(k as int)
            }));
            assert(name@ =~= path@.skip(k + 1));
            Some((dir, name))
        },
    }
}

/// A file name without its extension: what comes before its last `.`, unless that `.` starts
/// the name.
pub open spec fn file_stem(name: Seq<char>) -> Seq<char> {
    let k = last_index(name, '.');
    if k <= 0 {
        name
    } else {
        name.take(k)
    }
}

/// Where the content of a trashed item lies: `files/<stem>` in the trash folder that holds its
/// descriptor `info/<stem>.trashinfo`.
pub open spec fn content_path(id: Seq<char>) -> Option<Seq<char>> {
    match split_last(id) {
        Some((info_dir, info_file)) => match split_last(info_dir) {
            Some((trash_folder, _)) => Some(join(join(trash_folder, "files"@), file_stem(info_file))),
            None => None,
        },
        None => None,
    }
}

/// Finds the content of the trashed item whose descriptor is `id`; `None` when `id` does not lie
/// two directories deep.
pub fn content_path_of(id: &str) -> (r: Option<String>)
    ensures
        match r {
            Some(p) => content_path(id@) == Some(p@),
            None => content_path(id@) is None,
        },
{
    let chars = chars_of(id);
    let (info_dir, info_file) = match split_at_last_slash(chars.as_slice()) {
        Some(parts) => parts,
        None => {
            return None;
        },
    };
    let (trash_folder, _) = match split_at_last_slash(info_dir.as_slice()) {
        Some(parts) => parts,
        None => {
            return None;
        },
    };
    let stem: Vec<char> = match find_last(info_file.as_slice(), '.') {
        Some(k) => {
            if k == 0 {
                info_file
            } else {
                proof {
                    lemma_last_index_bounds(info_file@, '.');
                }
                let mut v: Vec<char> = Vec::new();
                append_range(&mut v, info_file.as_slice(), 0, k);
                assert(v@ =~= info_file@.take(k as int));
                v
            }
        },
        None => info_file,
    };
    assert(stem@ == file_stem(info_file@));
    let folder = string_of(trash_folder.as_slice());
    let files = join_path(folder.as_str(), "files");
    let stem = string_of(stem.as_slice());
    Some(join_path(files.as_str(), stem.as_str()))
}

/// The index of the first item whose original path an earlier item shares.
pub open spec fn is_first_twin(items: Seq<TrashItem>, i: int) -> bool {
    &&& 0 <= i < items.len()
    &&& exists|j: int| 0 <= j < i && items[j].original_path_spec() == items[i].original_path_spec()
    &&& forall|a: int, b: int|
        0 <= a < b < i ==> items[a].original_path_spec() != items[b].original_path_spec()
}

pub open spec fn has_twins(items: Seq<TrashItem>) -> bool {
    exists|a: int, b: int|
        0 <= a < b < items.len() && items[a].original_path_spec() == items[b].original_path_spec()
}

/// Finds the first item that would be restored where an earlier one goes.
pub fn find_twin(items: &Vec<TrashItem>) -> (r: Option<usize>)
    ensures
        r is None <==> !has_twins(items@),
        r is Some ==> is_first_twin(items@, r->Some_0 as int),
{
    let mut paths: Vec<String> = Vec::new();
    let mut i: usize = 0;
    while i < items.len()
        invariant
            i <= items@.len(),
            paths@.len() == i,
            forall|k: int| 0 <= k < i ==> #[trigger] paths@[k]@ == items@[k].original_path_spec(),
            forall|a: int, b: int|
                0 <= a < b < i ==> items@[a].original_path_spec() != items@[b].original_path_spec(),
        decreases items@.len() - i,
    {
        let path = items[i].original_path();
        let mut j: usize = 0;
        while j < i
            invariant
                j <= i < items@.len(),
                paths@.len() == i,
                path@ == items@[i as int].original_path_spec(),
                forall|k: int| 0 <= k < i ==> #[trigger] paths@[k]@ == items@[k].original_path_spec(),
                forall|a: int| 0 <= a < j ==> items@[a].original_path_spec() != path@,
                forall|a: int, b: int|
                    0 <= a < b < i ==> items@[a].original_path_spec()
                        != items@[b].original_path_spec(),
            decreases i - j,
        {
            if paths[j] == path {
                assert(paths@[j as int]@ == items@[j as int].original_path_spec());
                assert(items@[j as int].original_path_spec() == items@[i as int].original_path_spec());
                return Some(i);
            }
            j = j + 1;
        }
        paths.push(path);
        i = i + 1;
    }
    None
}

/// Refuses a set of items to restore when two of them would go to one place: the error names
/// that place and carries every item, untouched. Otherwise hands the items back.
pub fn check_twins(items: Vec<TrashItem>) -> (r: Result<Vec<TrashItem>, Error>)
    ensures
        r is Ok <==> !has_twins(items@),
        r is Ok ==> r->Ok_0@ == items@,
        r is Err ==> exists|i: int|
            is_first_twin(items@, i) && (match r->Err_0 {
                Error::RestoreTwins { path, items: all } => path@ == items@[i].original_path_spec()
                    && all@ == items@,
                _ => false,
            }),
{
    match find_twin(&items) {
        None => Ok(items),
        Some(i) => {
            let path = items[i].original_path();
            Err(Error::RestoreTwins { path, items })
        },
    }
}

/// The error for a restore that finds something at the original path of `items[at]`: it names
/// that path and carries that item and every item after it.
pub fn restore_collision(items: Vec<TrashItem>, at: usize) -> (r: Error)
    requires
        at < items@.len(),
    ensures
        match r {
            Error::RestoreCollision { path, remaining_items } => path@
                == items@[at as int].original_path_spec() && remaining_items@ == items@.skip(
                at as int,
            ),
            _ => false,
        },
{
    let ghost all = items@;
    let mut items = items;
    let path = items[at].original_path();
    let remaining = items.split_off(at);
    assert(remaining@ =~= all.skip(at as int));
    Error::RestoreCollision { path, remaining_items: remaining }
}


/// The characters with the Unicode `White_Space` property.
pub open spec fn is_ws(c: char) -> bool {
    let n = c as u32;
    (0x9 <= n && n <= 0xd) || n == 0x20 || n == 0x85 || n == 0xa0 || n == 0x1680 || (0x2000 <= n
        && n <= 0x200a) || n == 0x2028 || n == 0x2029 || n == 0x202f || n == 0x205f || n == 0x3000
}

fn is_whitespace(c: char) -> (r: bool)
    ensures
        r == is_ws(c),
{
    let n = c as u32;
    (0x9 <= n && n <= 0xd) || n == 0x20 || n == 0x85 || n == 0xa0 || n == 0x1680 || (0x2000 <= n
        && n <= 0x200a) || n == 0x2028 || n == 0x2029 || n == 0x202f || n == 0x205f || n == 0x3000
}

pub open spec fn trim_start(s: Seq<char>) -> Seq<char>
    decreases s.len(),
{
    if s.len() > 0 && is_ws(s[0]) {
        trim_start(s.drop_first())
    } else {
        s
    }
}

pub open spec fn trim_end(s: Seq<char>) -> Seq<char>
    decreases s.len(),
{
    if s.len() > 0 && is_ws(s.last()) {
        trim_end(s.drop_last())
    } else {
        s
    }
}

/// `s` without white space at either end.
pub open spec fn trim(s: Seq<char>) -> Seq<char> {
    trim_end(trim_start(s))
}

fn trimmed(s: &[char], from: usize, to: usize) -> (r: Vec<char>)
    requires
        from <= to <= s@.len(),
    ensures
        r@ == trim(s@.subrange(from as int, to as int)),
{
    let mut i: usize = from;
    while i < to && is_whitespace(s[i])
        invariant
            from <= i <= to <= s@.len(),
            trim_start(s@.subrange(from as int, to as int)) == trim_start(
                s@.subrange(i as int, to as int),
            ),
        decreases to - i,
    {
        assert(s@.subrange(i as int, to as int).drop_first() =~= s@.subrange(i + 1, to as int));
        i = i + 1;
    }
    let ghost t = s@.subrange(i as int, to as int);
    assert(trim_start(t) == t);
    let mut j: usize = to;
    assert(s@.subrange(i as int, j as int) =~= t);
    while j > i && is_whitespace(s[j - 1])
        invariant
            i <= j <= to <= s@.len(),
            t == s@.subrange(i as int, to as int),
            trim_end(t) == trim_end(s@.subrange(i as int, j as int)),
        decreases j,
    {
        assert(s@.subrange(i as int, j as int).drop_last() =~= s@.subrange(i as int, j - 1));
        j = j - 1;
    }
    let mut out: Vec<char> = Vec::new();
    append_range(&mut out, s, i, j);
    assert(out@ =~= s@.subrange(i as int, j as int));
    out
}

/// The pieces of `v` between its `sep` characters.
pub open spec fn split_on(v: Seq<char>, sep: char) -> Seq<Seq<char>>
    decreases v.len(),
{
    if v.len() == 0 {
        seq![Seq::empty()]
    } else if v[0] == sep {
        seq![Seq::empty()] + split_on(v.drop_first(), sep)
    } else {
        let r = split_on(v.drop_first(), sep);
        r.update(0, seq![v[0]] + r[0])
    }
}

proof fn lemma_split_on_len(v: Seq<char>, sep: char)
    ensures
        split_on(v, sep).len() >= 1,
    decreases v.len(),
{
    if v.len() > 0 {
        lemma_split_on_len(v.drop_first(), sep);
    }
}

pub open spec fn strip_cr(line: Seq<char>) -> Seq<char> {
    if line.len() > 0 && line.last() == '\r' {
        line.drop_last()
    } else {
        line
    }
}

/// The lines of a text: the pieces between line feeds, each without a final carriage return;
/// a text that ends with a line feed has no empty last line.
pub open spec fn lines_of(text: Seq<char>) -> Seq<Seq<char>> {
    let pieces = split_on(text, '\n');
    let kept = if pieces.last().len() == 0 {
        pieces.drop_last()
    } else {
        pieces
    };
    kept.map_values(|l: Seq<char>| strip_cr(l))
}

fn split_lines(text: &[char]) -> (r: Vec<Vec<char>>)
    ensures
        r@.map_values(|l: Vec<char>| l@) == split_on(text@, '\n'),
{
    let mut done: Vec<Vec<char>> = Vec::new();
    let mut cur: Vec<char> = Vec::new();
    let mut i: usize = 0;
    proof {
        lemma_split_on_len(text@, '\n');
        assert(text@.subrange(0, text@.len() as int) =~= text@);
        let s = split_on(text@, '\n');
        assert(s.update(0, cur@ + s[0]) =~= s);
        assert(done@.map_values(|l: Vec<char>| l@) + s =~= s);
    }
    while i < text.len()
        invariant
            i <= text@.len(),
            split_on(text@, '\n') == done@.map_values(|l: Vec<char>| l@) + {
                let s = split_on(text@.subrange(i as int, text@.len() as int), '\n');
                s.update(0, cur@ + s[0])
            },
        decreases text@.len() - i,
    {
        let ghost w = text@.subrange(i as int, text@.len() as int);
        let ghost w1 = text@.subrange(i + 1, text@.len() as int);
        let ghost dv = done@.map_values(|l: Vec<char>| l@);
        let ghost old_cur = cur@;
        assert(w.drop_first() =~= w1);
        assert(w[0] == text@[i as int]);
        proof {
            lemma_split_on_len(w1, '\n');
        }
        let c = text[i];
        if c == '\n' {
            let line = cur;
            cur = Vec::new();
            done.push(line);
            let ghost s1 = split_on(w1, '\n');
            assert(done@.map_values(|l: Vec<char>| l@) =~= dv.push(old_cur));
            assert(split_on(w, '\n') == seq![Seq::<char>::empty()] + s1);
            assert((seq![Seq::<char>::empty()] + s1).update(0, old_cur + Seq::<char>::empty())
                =~= seq![old_cur] + s1);
            assert(s1.update(0, cur@ + s1[0]) =~= s1);
            assert(dv + (seq![old_cur] + s1) =~= dv.push(old_cur) + s1);
        } else {
            cur.push(c);
            let ghost s1 = split_on(w1, '\n');
            assert(split_on(w, '\n') == s1.update(0, seq![c] + s1[0]));
            assert(old_cur + (seq![c] + s1[0]) =~= cur@ + s1[0]);
            assert(s1.update(0, seq![c] + s1[0]).update(0, old_cur + (seq![c] + s1[0]))
                =~= s1.update(0, cur@ + s1[0]));
        }
        i = i + 1;
    }
    let ghost dv = done@.map_values(|l: Vec<char>| l@);
    assert(text@.subrange(i as int, text@.len() as int) =~= Seq::<char>::empty());
    let last = cur;
    done.push(last);
    assert(done@.map_values(|l: Vec<char>| l@) =~= split_on(text@, '\n'));
    done
}

/// Whether `i` is the first `=` of `line`.
pub open spec fn first_eq(line: Seq<char>, i: int) -> bool {
    &&& 0 <= i < line.len()
    &&& line[i] == '='
    &&& forall|k: int| 0 <= k < i ==> line[k] != '='
}

/// The key and value of a descriptor line, split at its first `=` and trimmed; `None` for a
/// line without `=`.
pub open spec fn key_value(line: Seq<char>) -> Option<(Seq<char>, Seq<char>)> {
    if exists|i: int| first_eq(line, i) {
        let i = choose|i: int| first_eq(line, i);
        Some((trim(line.take(i)), trim(line.skip(i + 1))))
    } else {
        None
    }
}

fn line_key_value(line: &[char]) -> (r: Option<(Vec<char>, Vec<char>)>)
    ensures
        match r {
            Some((k, v)) => key_value(line@) == Some((k@, v@)),
            None => key_value(line@) is None,
        },
{
    let mut i: usize = 0;
    while i < line.len()
        invariant
            i <= line@.len(),
            forall|k: int| 0 <= k < i ==> line@[k] != '=',
        decreases line@.len() - i,
    {
        if line[i] == '=' {
            assert(first_eq(line@, i as int));
            let ghost c = choose|c: int| first_eq(line@, c);
            assert(c == i) by {
                if c < i {
                    assert(line@[c] != '=');
                } else if c > i {
                    assert(line@[i as int] != '=');
                }
            }
            let key = trimmed(line, 0, i);
            let value = trimmed(line, i + 1, line.len());
            assert(line@.take(i as int) =~= line@.subrange(0, i as int));
            assert(line@.skip(i + 1) =~= line@.subrange(i + 1, line@.len() as int));
            return Some((key, value));
        }
        i = i + 1;
    }
    None
}

fn slices_equal(a: &[char], b: &[char]) -> (r: bool)
    ensures
        r == (a@ == b@),
{
    if a.len() != b.len() {
        return false;
    }
    let mut i: usize = 0;
    while i < a.len()
        invariant
            i <= a@.len() == b@.len(),
            forall|k: int| 0 <= k < i ==> a@[k] == b@[k],
        decreases a@.len() - i,
    {
        if a[i] != b[i] {
            return false;
        }
        i = i + 1;
    }
    assert(a@ =~= b@);
    true
}

/// The value of the last line after the first whose key is `key`.
pub open spec fn field(lines: Seq<Seq<char>>, key: Seq<char>) -> Option<Seq<char>>
    decreases lines.len(),
{
    if lines.len() <= 1 {
        None
    } else {
        match key_value(lines.last()) {
            Some((k, v)) => if k == key {
                Some(v)
            } else {
                field(lines.drop_last(), key)
            },
            None => field(lines.drop_last(), key),
        }
    }
}

/// What a descriptor says of its item, as `(name, original_parent, time_deleted)`: its `Path`
/// field, put under the file URL path of the mount's directory `topdir` when relative, is the
/// path of a file URL naming the original path, split as `parent_and_name` does; its
/// `DeletionDate` field, read as UTC, is a date and time. `None` when a field is missing or
/// unreadable, or the path has no name.
pub open spec fn listed(text: Seq<char>, topdir: Seq<char>) -> Option<(Seq<char>, Seq<char>, int)> {
    let lines = lines_of(text);
    match (field(lines, "Path"@), field(lines, "DeletionDate"@)) {
        (Some(path_field), Some(date)) => match path_of_file_url(
            "file://"@ + resolved_field(path_field, topdir),
        ) {
            Some(full) => match rfc3339_timestamp(date + "Z"@) {
                Some(t) => match parent_and_name(without_trailing_slash(full)) {
                    Some((parent, name)) => Some((name, parent, t)),
                    None => None,
                },
                None => None,
            },
            None => None,
        },
        _ => None,
    }
}

/// The `Path` and `DeletionDate` fields of a descriptor: of each key, the value of the last line
/// after the first that has that key.
pub fn descriptor_fields(text: &str) -> (r: (Option<String>, Option<String>))
    ensures
        match r.0 {
            Some(p) => field(lines_of(text@), "Path"@) == Some(p@),
            None => field(lines_of(text@), "Path"@) is None,
        },
        match r.1 {
            Some(d) => field(lines_of(text@), "DeletionDate"@) == Some(d@),
            None => field(lines_of(text@), "DeletionDate"@) is None,
        },
{
    proof {
        reveal_strlit("Path");
        reveal_strlit("DeletionDate");
    }
    let chars = chars_of(text);
    let pieces = split_lines(chars.as_slice());
    let ghost pv = pieces@.map_values(|l: Vec<char>| l@);
    let count: usize = if pieces.len() > 0 && pieces[pieces.len() - 1].len() == 0 {
        pieces.len() - 1
    } else {
        pieces.len()
    };
    proof {
        lemma_split_on_len(text@, '\n');
    }
    let ghost kept = if pv.last().len() == 0 {
        pv.drop_last()
    } else {
        pv
    };
    assert(pv.len() == pieces@.len());
    assert(pv.last() == pieces@[pieces@.len() - 1]@);
    assert(kept.len() == count);
    let ghost lines = lines_of(text@);
    assert(lines =~= kept.map_values(|l: Seq<char>| strip_cr(l)));
    let path_key = chars_of("Path");
    let date_key = chars_of("DeletionDate");
    let mut path_field: Option<Vec<char>> = None;
    let mut date_field: Option<Vec<char>> = None;
    let mut i: usize = 1;
    proof {
        if count >= 1 {
            assert(field(lines.take(1), "Path"@) is None);
            assert(field(lines.take(1), "DeletionDate"@) is None);
        }
    }
    while i < count
        invariant
            1 <= i,
            i <= count || count == 0,
            count == lines.len(),
            count <= pieces@.len(),
            lines == lines_of(text@),
            pv == pieces@.map_values(|l: Vec<char>| l@),
            forall|k: int| 0 <= k < count ==> #[trigger] lines[k] == strip_cr(pv[k]),
            path_key@ == "Path"@,
            date_key@ == "DeletionDate"@,
            count >= 1 ==> match path_field {
                Some(v) => field(lines.take(i as int), "Path"@) == Some(v@),
                None => field(lines.take(i as int), "Path"@) is None,
            },
            count >= 1 ==> match date_field {
                Some(v) => field(lines.take(i as int), "DeletionDate"@) == Some(v@),
                None => field(lines.take(i as int), "DeletionDate"@) is None,
            },
        decreases count - i,
    {
        assert(lines.take(i + 1).drop_last() =~= lines.take(i as int));
        assert(lines.take(i + 1).last() == lines[i as int]);
        let piece = &pieces[i];
        assert(pv[i as int] == piece@);
        let mut line: Vec<char> = Vec::new();
        let n = piece.len();
        if n > 0 && piece[n - 1] == '\r' {
            append_range(&mut line, piece.as_slice(), 0, n - 1);
            assert(line@ =~= piece@.drop_last());
        } else {
            append_range(&mut line, piece.as_slice(), 0, n);
            assert(line@ =~= piece@);
        }
        assert(line@ == lines[i as int]);
        let ghost next = lines.take(i + 1);
        assert(next.len() > 1);
        match line_key_value(line.as_slice()) {
            Some((k, v)) => {
                let is_path = slices_equal(k.as_slice(), path_key.as_slice());
                let is_date = slices_equal(k.as_slice(), date_key.as_slice());
                if is_path {
                    path_field = Some(v);
                } else if is_date {
                    date_field = Some(v);
                }
                proof {
                    reveal_strlit("Path");
                    reveal_strlit("DeletionDate");
                    assert("Path"@.len() != "DeletionDate"@.len());
                }
            },
            None => {},
        }
        i = i + 1;
    }
    if count == 0 {
        return (None, None);
    }
    assert(lines.take(count as int) =~= lines);
    let path_text = match path_field {
        Some(v) => Some(string_of(v.as_slice())),
        None => None,
    };
    let date_text = match date_field {
        Some(v) => Some(string_of(v.as_slice())),
        None => None,
    };
    (path_text, date_text)
}

/// The parent directory and the name of a path, as `Path::parent` and `Path::file_name` give
/// them: one trailing `/` does not count, and a path whose last part is empty has no name.
pub open spec fn parent_and_name(full: Seq<char>) -> Option<(Seq<char>, Seq<char>)> {
    match split_last(without_trailing_slash(full)) {
        Some((parent, name)) => if name.len() > 0 {
            Some((parent, name))
        } else {
            None
        },
        None => None,
    }
}

/// The item whose descriptor is `id`, for the decoded original path `full_path` and the deletion
/// time `time_deleted`; `None` when the path has no name.
pub fn item_from_parts(id: &str, full_path: &str, time_deleted: i64) -> (r: Option<TrashItem>)
    ensures
        match r {
            Some(item) => item.id@ == id@ && item.time_deleted == time_deleted && parent_and_name(
                full_path@,
            ) == Some((item.original_parent@, item.name@)),
            None => parent_and_name(full_path@) is None,
        },
{
    let trimmed = drop_trailing_slash(full_path);
    let p = chars_of(trimmed.as_str());
    let (parent, name) = match split_at_last_slash(p.as_slice()) {
        Some(parts) => parts,
        None => {
            return None;
        },
    };
    if name.len() == 0 {
        return None;
    }
    Some(
        TrashItem {
            id: string_of(chars_of(id).as_slice()),
            name: string_of(name.as_slice()),
            original_parent: string_of(parent.as_slice()),
            time_deleted,
        },
    )
}

/// Reads the descriptor `text` found at `id`, in a trash on the mount at `topdir`, into the item
/// it describes; `None` for a descriptor that `listed` cannot read, which a listing skips.
pub fn item_from_descriptor(id: &str, text: &str, topdir: &str) -> (r: Option<TrashItem>)
    requires
        is_absolute(topdir@),
    ensures
        match r {
            Some(item) => item.id@ == id@ && listed(text@, topdir@) == Some(
                (item.name@, item.original_parent@, item.time_deleted as int),
            ),
            None => listed(text@, topdir@) is None,
        },
{
    proof {
        reveal_strlit("Z");
    }
    let (path_field, date_field) = descriptor_fields(text);
    let (path_field, date_field) = match (path_field, date_field) {
        (Some(p), Some(d)) => (p, d),
        _ => {
            return None;
        },
    };
    let full = match decode_path(path_field.as_str(), topdir) {
        Some(f) => f,
        None => {
            return None;
        },
    };
    let mut stamp = chars_of(date_field.as_str());
    stamp.push('Z');
    let stamp = string_of(stamp.as_slice());
    assert(stamp@ =~= date_field@ + "Z"@);
    let time_deleted = match timestamp_of_rfc3339(stamp.as_str()) {
        Some(t) => t,
        None => {
            return None;
        },
    };
    item_from_parts(id, full.as_str(), time_deleted)
}


proof fn lemma_split_on_line(a: Seq<char>, b: Seq<char>, sep: char)
    requires
        !a.contains(sep),
    ensures
        split_on(a + seq![sep] + b, sep) == seq![a] + split_on(b, sep),
    decreases a.len(),
{
    let v = a + seq![sep] + b;
    lemma_split_on_len(b, sep);
    if a.len() == 0 {
        assert(v.drop_first() =~= b);
        assert(a =~= Seq::<char>::empty());
    } else {
        let r = a.drop_first();
        assert(!r.contains(sep)) by {
            if r.contains(sep) {
                let k = choose|k: int| 0 <= k < r.len() && r[k] == sep;
                assert(a[k + 1] == sep);
            }
        }
        assert(a[0] != sep);
        assert(v.drop_first() =~= r + seq![sep] + b);
        lemma_split_on_line(r, b, sep);
        let tail = split_on(v.drop_first(), sep);
        assert(tail == seq![r] + split_on(b, sep));
        assert(seq![a[0]] + r =~= a);
        assert(split_on(v, sep) =~= seq![a] + split_on(b, sep));
    }
}

/// Text with no white space at either end.
pub open spec fn trimmed_text(s: Seq<char>) -> bool {
    s.len() == 0 || (!is_ws(s[0]) && !is_ws(s.last()))
}

proof fn lemma_trim_trimmed(s: Seq<char>)
    requires
        trimmed_text(s),
    ensures
        trim(s) == s,
{
}

/// The key and value of `key + "=" + value`, for a key without `=`.
proof fn lemma_key_value(key: Seq<char>, value: Seq<char>)
    requires
        !key.contains('='),
        trimmed_text(key),
        trimmed_text(value),
    ensures
        key_value(key + seq!['='] + value) == Some((key, value)),
{
    let line = key + seq!['='] + value;
    let i = key.len() as int;
    assert(first_eq(line, i)) by {
        assert forall|k: int| 0 <= k < i implies line[k] != '=' by {
            assert(line[k] == key[k]);
        }
    }
    let c = choose|c: int| first_eq(line, c);
    assert(c == i) by {
        if c < i {
            assert(line[c] != '=');
        } else if c > i {
            assert(line[i] != '=');
        }
    }
    assert(line.take(i) =~= key);
    assert(line.skip(i + 1) =~= value);
    lemma_trim_trimmed(key);
    lemma_trim_trimmed(value);
}

/// Reading back the descriptor written for an item gives its `Path` field and its deletion date
/// unchanged, for fields on one line with no white space at either end; so the listing of a
/// trashed item names the place and time that were written for it.
pub proof fn lemma_descriptor_round_trip(path_field: Seq<char>, date: Seq<char>)
    requires
        !path_field.contains('\n'),
        !date.contains('\n'),
        trimmed_text(path_field),
        trimmed_text(date),
    ensures
        field(lines_of(descriptor(path_field, date)), "Path"@) == Some(path_field),
        field(lines_of(descriptor(path_field, date)), "DeletionDate"@) == Some(date),
{
    reveal_strlit("[Trash Info]\nPath=");
    reveal_strlit("\nDeletionDate=");
    reveal_strlit("\n");
    reveal_strlit("Path");
    reveal_strlit("DeletionDate");
    reveal_strlit("[Trash Info]");
    let header = "[Trash Info]"@;
    let path_line = "Path"@ + seq!['='] + path_field;
    let date_line = "DeletionDate"@ + seq!['='] + date;
    let nl = seq!['\n'];
    let text = descriptor(path_field, date);
    assert(text =~= header + nl + (path_line + nl + (date_line + nl + Seq::<char>::empty())));
    assert(!header.contains('\n')) by {
        if header.contains('\n') {
            let k = choose|k: int| 0 <= k < header.len() && header[k] == '\n';
        }
    }
    assert(!path_line.contains('\n')) by {
        if path_line.contains('\n') {
            let k = choose|k: int| 0 <= k < path_line.len() && path_line[k] == '\n';
            if k >= 5 {
                assert(path_field[k - 5] == '\n');
            }
        }
    }
    assert(!date_line.contains('\n')) by {
        if date_line.contains('\n') {
            let k = choose|k: int| 0 <= k < date_line.len() && date_line[k] == '\n';
            if k >= 13 {
                assert(date[k - 13] == '\n');
            }
        }
    }
    lemma_split_on_line(date_line, Seq::<char>::empty(), '\n');
    lemma_split_on_line(path_line, date_line + nl + Seq::<char>::empty(), '\n');
    lemma_split_on_line(header, path_line + nl + (date_line + nl + Seq::<char>::empty()), '\n');
    let pieces = split_on(text, '\n');
    assert(pieces =~= seq![header, path_line, date_line, Seq::<char>::empty()]);
    let lines = lines_of(text);
    assert(strip_cr(header) == header);
    assert(strip_cr(path_line) == path_line) by {
        if path_field.len() > 0 {
            assert(path_line.last() == path_field.last());
        }
    }
    assert(strip_cr(date_line) == date_line) by {
        if date.len() > 0 {
            assert(date_line.last() == date.last());
        }
    }
    assert(lines =~= seq![header, path_line, date_line]);
    assert(!"Path"@.contains('=')) by {
        if "Path"@.contains('=') {
            let k = choose|k: int| 0 <= k < 4 && "Path"@[k] == '=';
        }
    }
    assert(!"DeletionDate"@.contains('=')) by {
        if "DeletionDate"@.contains('=') {
            let k = choose|k: int| 0 <= k < 12 && "DeletionDate"@[k] == '=';
        }
    }
    lemma_key_value("Path"@, path_field);
    lemma_key_value("DeletionDate"@, date);
    assert(lines.drop_last() =~= seq![header, path_line]);
    assert(lines.last() == date_line);
    assert(lines.drop_last().last() == path_line);
    assert("Path"@ != "DeletionDate"@) by {
        assert("Path"@.len() != "DeletionDate"@.len());
    }
    assert(field(lines.drop_last(), "Path"@) == Some(path_field));
    assert(field(lines, "Path"@) == field(lines.drop_last(), "Path"@));
}

} // verus!
