use crate::constants::spec_extension;
use crate::error::PackError;
use crate::text::concat_str;
use vstd::prelude::*;

verus! {

/// What a path names on disk, or what an archive entry is.
#[derive(Clone, Copy, Debug, PartialEq, Eq, Structural)]
pub enum EntryKind {
    File,
    Directory,
    Other,
}

/// One entry met while walking a directory to pack: its kind and, for a
/// file, its length.
#[derive(Clone, Copy, Debug, PartialEq, Eq, Structural)]
pub struct SourceEntry {
    pub kind: EntryKind,
    pub len: u64,
}

/// What is known of the input before packing: the name it is stored under
/// and the number of bytes it holds.
pub struct SourceInfo {
    pub root_name: String,
    pub total_bytes: u64,
}

/// The name proposed for the archive of an input: for a file its stem (the
/// name without its extension), for a directory its name, followed by
/// `.minipacked`. The caller gives the stem and name that the platform's path
/// rules find in the input.
pub fn suggested_archive_name(is_file: bool, file_name: Option<String>, file_stem: Option<String>) -> (r:
    Result<String, PackError>)
    ensures
        ({
            let base = if is_file {
                file_stem
            } else {
                file_name
            };
            &&& base is None ==> r == Err::<String, PackError>(PackError::NoFileName)
            &&& base is Some ==> r is Ok
            &&& r matches Ok(s) ==> s@ == base->Some_0@ + spec_extension()
        }),
{
    let base = if is_file {
        file_stem
    } else {
        file_name
    };
    match base {
        Some(b) => {
            let name = concat_str(b.as_str(), ".minipacked");
            proof {
                reveal_strlit(".minipacked");
                assert(".minipacked"@ =~= spec_extension());
            }
            Ok(name)
        },
        None => Err(PackError::NoFileName),
    }
}

/// The total a walk adds up to, entry by entry: files add their length
/// (saturating), directories add nothing, and anything else stops the walk
/// with `UnsupportedSourcePath` and its index.
pub open spec fn tally(walk: Seq<SourceEntry>, n: int) -> Result<u64, PackError>
    decreases n,
{
    if n <= 0 {
        Ok(0)
    } else {
        match tally(walk, n - 1) {
            Err(e) => Err(e),
            Ok(t) => match walk[n - 1].kind {
                EntryKind::File => Ok(
                    if t + walk[n - 1].len > u64::MAX {
                        u64::MAX
                    } else {
                        (t + walk[n - 1].len) as u64
                    },
                ),
                EntryKind::Directory => Ok(t),
                EntryKind::Other => Err(PackError::UnsupportedSourcePath((n - 1) as usize)),
            },
        }
    }
}

proof fn lemma_tally_error_sticks(walk: Seq<SourceEntry>, k: int, n: int)
    requires
        0 <= k <= n,
        tally(walk, k) is Err,
    ensures
        tally(walk, n) == tally(walk, k),
    decreases n - k,
{
    if k < n {
        lemma_tally_error_sticks(walk, k, n - 1);
    }
}

/// Sums what a directory walk met.
pub fn tally_walk(walk: &[SourceEntry]) -> (r: Result<u64, PackError>)
    ensures
        r == tally(walk@, walk@.len() as int),
{
    let mut total: u64 = 0;
    let mut i: usize = 0;
    while i < walk.len()
        invariant
            i <= walk@.len(),
            tally(walk@, i as int) == Ok::<u64, PackError>(total),
        decreases walk@.len() - i,
    {
        let entry = walk[i];
        match entry.kind {
            EntryKind::File => {
                total = total.saturating_add(entry.len);
            },
            EntryKind::Directory => {},
            EntryKind::Other => {
                proof {
                    lemma_tally_error_sticks(walk@, i + 1, walk@.len() as int);
                }
                return Err(PackError::UnsupportedSourcePath(i));
            },
        }
        i = i + 1;
    }
    Ok(total)
}

/// Looks at the input before packing: it must have a final name, which it is
/// stored under. A file holds `file_len` bytes; a directory holds what its
/// walk adds up to (see [`tally`]); anything else is refused.
pub fn inspect_source(
    file_name: Option<String>,
    kind: EntryKind,
    file_len: u64,
    walk: &[SourceEntry],
) -> (r: Result<SourceInfo, PackError>)
    ensures
        file_name is None ==> r == Err::<SourceInfo, PackError>(PackError::NoFileName),
        file_name matches Some(n) ==> match kind {
            EntryKind::File => (r matches Ok(info) && info.root_name == n && info.total_bytes
                == file_len),
            EntryKind::Directory => match tally(walk@, walk@.len() as int) {
                Ok(t) => (r matches Ok(info) && info.root_name == n && info.total_bytes == t),
                Err(e) => r == Err::<SourceInfo, PackError>(e),
            },
            EntryKind::Other => r == Err::<SourceInfo, PackError>(PackError::UnsupportedSourceKind),
        },
{
    let root_name = match file_name {
        Some(n) => n,
        None => return Err(PackError::NoFileName),
    };
    let total_bytes = match kind {
        EntryKind::File => file_len,
        EntryKind::Directory => tally_walk(walk)?,
        EntryKind::Other => return Err(PackError::UnsupportedSourceKind),
    };
    Ok(SourceInfo { root_name, total_bytes })
}

// ---------------------------------------------------------------------------
// Unpacking
// ---------------------------------------------------------------------------
/// A component of an archive entry path, as the platform's path rules split
/// it; a normal component carries its bytes.
pub enum PathComponent {
    Prefix,
    RootDir,
    CurDir,
    ParentDir,
    Normal(Vec<u8>),
}

/// The outcome of checking the components `cs[..n]` of an entry path: the
/// normal components in order, skipping `.`; a prefix, a root or `..` is
/// refused.
pub open spec fn output_parts_upto(cs: Seq<PathComponent>, n: int) -> Result<
    Seq<Seq<u8>>,
    PackError,
>
    decreases n,
{
    if n <= 0 {
        Ok(Seq::empty())
    } else {
        match output_parts_upto(cs, n - 1) {
            Err(e) => Err(e),
            Ok(parts) => match cs[n - 1] {
                PathComponent::Normal(p) => Ok(parts.push(p@)),
                PathComponent::CurDir => Ok(parts),
                _ => Err(PackError::InvalidOutputPath),
            },
        }
    }
}

/// Where an entry with path components `cs` is written, relative to the
/// working directory: its normal components, provided there is at least one
/// and no component is a prefix, a root or `..`.
pub open spec fn output_parts(cs: Seq<PathComponent>) -> Result<Seq<Seq<u8>>, PackError> {
    match output_parts_upto(cs, cs.len() as int) {
        Err(e) => Err(e),
        Ok(parts) => if parts.len() == 0 {
            Err(PackError::EmptyOutputPath)
        } else {
            Ok(parts)
        },
    }
}

/// The views of a sequence of byte vectors.
pub open spec fn parts_view(parts: Seq<Vec<u8>>) -> Seq<Seq<u8>> {
    parts.map_values(|p: Vec<u8>| p@)
}

proof fn lemma_parts_error_sticks(cs: Seq<PathComponent>, k: int, n: int)
    requires
        0 <= k <= n,
        output_parts_upto(cs, k) is Err,
    ensures
        output_parts_upto(cs, n) == output_parts_upto(cs, k),
    decreases n - k,
{
    if k < n {
        lemma_parts_error_sticks(cs, k, n - 1);
    }
}

fn copy_bytes(b: &Vec<u8>) -> (r: Vec<u8>)
    ensures
        r@ == b@,
{
    let mut r: Vec<u8> = Vec::new();
    let mut i: usize = 0;
    while i < b.len()
        invariant
            i <= b@.len(),
            r@ == b@.take(i as int),
        decreases b@.len() - i,
    {
        r.push(b[i]);
        i = i + 1;
        assert(r@ =~= b@.take(i as int));
    }
    assert(b@.take(i as int) =~= b@);
    r
}

/// Checks an archive entry path and gives the relative path it is unpacked
/// to (see [`output_parts`]).
pub fn validate_output_path(components: &[PathComponent]) -> (r: Result<Vec<Vec<u8>>, PackError>)
    ensures
        r matches Ok(parts) ==> output_parts(components@) == Ok::<Seq<Seq<u8>>, PackError>(
            parts_view(parts@),
        ),
        r matches Err(e) ==> output_parts(components@) == Err::<Seq<Seq<u8>>, PackError>(e),
{
    let mut output: Vec<Vec<u8>> = Vec::new();
    let mut i: usize = 0;
    assert(parts_view(output@) =~= Seq::<Seq<u8>>::empty());
    while i < components.len()
        invariant
            i <= components@.len(),
            output_parts_upto(components@, i as int) == Ok::<Seq<Seq<u8>>, PackError>(
                parts_view(output@),
            ),
        decreases components@.len() - i,
    {
        match &components[i] {
            PathComponent::Normal(part) => {
                let p = copy_bytes(part);
                let ghost prev = output@;
                output.push(p);
                assert(parts_view(output@) =~= parts_view(prev).push(p@));
            },
            PathComponent::CurDir => {},
            _ => {
                proof {
                    lemma_parts_error_sticks(components@, i + 1, components@.len() as int);
                }
                return Err(PackError::InvalidOutputPath);
            },
        }
        i = i + 1;
    }
    if output.len() == 0 {
        return Err(PackError::EmptyOutputPath);
    }
    Ok(output)
}

/// What to do with an archive entry whose output path has been checked.
#[derive(Clone, Copy, Debug, PartialEq, Eq, Structural)]
pub enum EntryAction {
    CreateDir,
    WriteFile,
}

/// Decides what to do with an entry of the given kind: nothing that exists
/// is overwritten, directories are created, regular files written, and
/// anything else refused.
pub fn entry_action(kind: EntryKind, output_exists: bool) -> (r: Result<EntryAction, PackError>)
    ensures
        output_exists ==> r == Err::<EntryAction, PackError>(PackError::OverwriteRefused),
        !output_exists ==> r == match kind {
            EntryKind::Directory => Ok::<EntryAction, PackError>(EntryAction::CreateDir),
            EntryKind::File => Ok(EntryAction::WriteFile),
            EntryKind::Other => Err(PackError::UnsupportedEntry),
        },
{
    if output_exists {
        return Err(PackError::OverwriteRefused);
    }
    match kind {
        EntryKind::Directory => Ok(EntryAction::CreateDir),
        EntryKind::File => Ok(EntryAction::WriteFile),
        EntryKind::Other => Err(PackError::UnsupportedEntry),
    }
}

/// The first component of an entry path, as the name of what was restored.
pub open spec fn top_level_of(cs: Seq<PathComponent>) -> Seq<u8> {
    match cs[0] {
        PathComponent::Normal(p) => p@,
        _ => seq![0x2eu8],
    }
}

/// The state kept while unpacking: the top-level name of the first entry.
pub struct UnpackPlan {
    first_top_level: Option<Vec<u8>>,
}

impl UnpackPlan {
    /// The top-level name recorded so far.
    pub closed spec fn first_top_level(&self) -> Option<Seq<u8>> {
        match self.first_top_level {
            Some(v) => Some(v@),
            None => None,
        }
    }

    /// Nothing unpacked yet.
    pub fn new() -> (p: UnpackPlan)
        ensures
            p.first_top_level() is None,
    {
        UnpackPlan { first_top_level: None }
    }

    /// Checks the path of the next entry (see [`validate_output_path`]) and
    /// returns its output path. The first entry that passes fixes the
    /// top-level name: its first component.
    pub fn admit_entry(&mut self, components: &[PathComponent]) -> (r: Result<
        Vec<Vec<u8>>,
        PackError,
    >)
        ensures
            r matches Ok(parts) ==> {
                &&& output_parts(components@) == Ok::<Seq<Seq<u8>>, PackError>(
                    parts_view(parts@),
                )
                &&& final(self).first_top_level() == match old(self).first_top_level() {
                    Some(t) => Some(t),
                    None => Some(top_level_of(components@)),
                }
            },
            r matches Err(e) ==> output_parts(components@) == Err::<Seq<Seq<u8>>, PackError>(e)
                && final(self).first_top_level() == old(self).first_top_level(),
    {
        let parts = validate_output_path(components)?;
        if self.first_top_level.is_none() {
            assert(components@.len() > 0) by {
                if components@.len() == 0 {
                    assert(output_parts_upto(components@, 0) == Ok::<
                        Seq<Seq<u8>>,
                        PackError,
                    >(Seq::empty()));
                }
            }
            let top = match &components[0] {
                PathComponent::Normal(p) => copy_bytes(p),
                _ => vec![0x2eu8],
            };
            proof {
                if !(components@[0] is Normal) {
                    assert(top@ =~= seq![0x2eu8]);
                }
            }
            self.first_top_level = Some(top);
        }
        Ok(parts)
    }

    /// The name of what was restored: the top-level name of the first entry,
    /// or `EmptyArchive` when there was no entry.
    pub fn finish(self) -> (r: Result<Vec<u8>, PackError>)
        ensures
            self.first_top_level() matches Some(t) ==> (r matches Ok(v) && v@ == t),
            self.first_top_level() is None ==> r == Err::<Vec<u8>, PackError>(
                PackError::EmptyArchive,
            ),
    {
        match self.first_top_level {
            Some(t) => Ok(t),
            None => Err(PackError::EmptyArchive),
        }
    }
}

/// No path that passes the check climbs out of the working directory or
/// starts at a root: the input held no prefix, root or `..` component, the
/// output is exactly its normal components in order, and there is at least
/// one.
pub proof fn validated_paths_stay_inside(cs: Seq<PathComponent>)
    ensures
        output_parts(cs) is Ok ==> {
            &&& forall|i: int|
                0 <= i < cs.len() ==> (#[trigger] cs[i] is Normal || cs[i] is CurDir)
            &&& output_parts(cs)->Ok_0.len() > 0
        },
{
    if output_parts(cs) is Ok {
        lemma_parts_ok_prefix(cs, cs.len() as int);
    }
}

proof fn lemma_parts_ok_prefix(cs: Seq<PathComponent>, n: int)
    requires
        0 <= n <= cs.len(),
        output_parts_upto(cs, n) is Ok,
    ensures
        forall|i: int| 0 <= i < n ==> (#[trigger] cs[i] is Normal || cs[i] is CurDir),
    decreases n,
{
    if n > 0 {
        lemma_parts_ok_prefix(cs, n - 1);
    }
}


/// The bytes of a normal component, and nothing for any other component.
pub open spec fn normal_bytes(c: PathComponent) -> Option<Seq<u8>> {
    match c {
        PathComponent::Normal(p) => Some(p@),
        _ => None,
    }
}

proof fn lemma_parts_upto_filter(cs: Seq<PathComponent>, n: int)
    requires
        0 <= n <= cs.len(),
    ensures
        output_parts_upto(cs, n) is Ok <==> forall|i: int|
            0 <= i < n ==> (#[trigger] cs[i] is Normal || cs[i] is CurDir),
        output_parts_upto(cs, n) matches Ok(parts) ==> parts == cs.take(n).filter_map(
            |c: PathComponent| normal_bytes(c),
        ),
        output_parts_upto(cs, n) is Err ==> output_parts_upto(cs, n) == Err::<
            Seq<Seq<u8>>,
            PackError,
        >(PackError::InvalidOutputPath),
    decreases n,
{
    if n > 0 {
        lemma_parts_upto_filter(cs, n - 1);
        let t = cs.take(n);
        assert(t.drop_last() =~= cs.take(n - 1));
        assert(t.last() == cs[n - 1]);
        if output_parts_upto(cs, n - 1) is Ok {
            let prev = output_parts_upto(cs, n - 1)->Ok_0;
            if let PathComponent::Normal(p) = cs[n - 1] {
                assert(prev.push(p@) =~= prev + seq![p@]);
            }
        }
    } else {
        assert(cs.take(0) =~= Seq::<PathComponent>::empty());
    }
}

proof fn lemma_filter_map_nonempty(cs: Seq<PathComponent>, j: int)
    requires
        0 <= j < cs.len(),
        cs[j] is Normal,
    ensures
        cs.filter_map(|c: PathComponent| normal_bytes(c)).len() > 0,
    decreases cs.len(),
{
    if j < cs.len() - 1 {
        lemma_filter_map_nonempty(cs.drop_last(), j);
    }
}

/// What unpacking writes an entry to, for every entry path: the check
/// succeeds exactly when every component is a normal one or `.` and at least
/// one is normal, and then the output path is exactly the normal components
/// of the entry path, each with its bytes, in their order (every `.`
/// dropped, nothing else dropped, added or moved).
pub proof fn output_path_is_normal_components(cs: Seq<PathComponent>)
    ensures
        output_parts(cs) is Ok <==> (forall|i: int|
            0 <= i < cs.len() ==> (#[trigger] cs[i] is Normal || cs[i] is CurDir)) && exists|j: int|
            0 <= j < cs.len() && #[trigger] cs[j] is Normal,
        output_parts(cs) matches Ok(parts) ==> parts == cs.filter_map(
            |c: PathComponent| normal_bytes(c),
        ),
        (exists|i: int|
            0 <= i < cs.len() && !(#[trigger] cs[i] is Normal || cs[i] is CurDir)) ==> output_parts(
            cs,
        ) == Err::<Seq<Seq<u8>>, PackError>(PackError::InvalidOutputPath),
        (forall|i: int| 0 <= i < cs.len() ==> !(#[trigger] cs[i] is Normal)) && (forall|i: int|
            0 <= i < cs.len() ==> #[trigger] cs[i] is CurDir) ==> output_parts(cs) == Err::<
            Seq<Seq<u8>>,
            PackError,
        >(PackError::EmptyOutputPath),
{
    let n = cs.len() as int;
    lemma_parts_upto_filter(cs, n);
    assert(cs.take(n) =~= cs);
    if exists|j: int| 0 <= j < cs.len() && #[trigger] cs[j] is Normal {
        let j = choose|j: int| 0 <= j < cs.len() && #[trigger] cs[j] is Normal;
        lemma_filter_map_nonempty(cs, j);
    } else if output_parts_upto(cs, n) is Ok {
        let parts = output_parts_upto(cs, n)->Ok_0;
        if parts.len() > 0 {
            lemma_filter_map_has_normal(cs);
        }
    }
}

proof fn lemma_filter_map_has_normal(cs: Seq<PathComponent>)
    requires
        cs.filter_map(|c: PathComponent| normal_bytes(c)).len() > 0,
    ensures
        exists|j: int| 0 <= j < cs.len() && #[trigger] cs[j] is Normal,
    decreases cs.len(),
{
    if cs.last() is Normal {
        assert(cs[cs.len() - 1] is Normal);
    } else {
        lemma_filter_map_has_normal(cs.drop_last());
        let j = choose|j: int| 0 <= j < cs.len() - 1 && #[trigger] cs.drop_last()[j] is Normal;
        assert(cs[j] is Normal);
    }
}

proof fn lemma_tally_insert_dir(walk: Seq<SourceEntry>, j: int, d: SourceEntry, k: int)
    requires
        0 <= j <= walk.len(),
        d.kind == EntryKind::Directory,
        0 <= k <= walk.len(),
    ensures
        k <= j ==> tally(walk.insert(j, d), k) == tally(walk, k),
        k >= j ==> (tally(walk.insert(j, d), k + 1) is Ok <==> tally(walk, k) is Ok),
        k >= j && tally(walk, k) is Ok ==> tally(walk.insert(j, d), k + 1) == tally(walk, k),
    decreases k,
{
    let w2 = walk.insert(j, d);
    if k > 0 {
        lemma_tally_insert_dir(walk, j, d, k - 1);
        if k - 1 < j {
            assert(w2[k - 1] == walk[k - 1]);
        } else {
            assert(w2[k] == walk[k - 1]);
        }
    }
    if k == j {
        assert(w2[j] == d);
    }
}

/// Directories add nothing to the size of what is packed: inserting a
/// directory entry anywhere in a walk leaves its outcome unchanged (the same
/// total, or a refusal in both cases); by the same token removing one does.
pub proof fn directories_add_nothing(walk: Seq<SourceEntry>, j: int, d: SourceEntry)
    requires
        0 <= j <= walk.len(),
        d.kind == EntryKind::Directory,
    ensures
        tally(walk.insert(j, d), (walk.len() + 1) as int) is Ok <==> tally(walk, walk.len() as int) is Ok,
        tally(walk, walk.len() as int) is Ok ==> tally(walk.insert(j, d), (walk.len() + 1) as int) == tally(
            walk,
            walk.len() as int,
        ),
{
    lemma_tally_insert_dir(walk, j, d, walk.len() as int);
}

/// A walk with no file adds up to nothing, and a file adds its length to the
/// total of what precedes it (saturating at `u64::MAX`).
pub proof fn files_add_their_length(walk: Seq<SourceEntry>, f: SourceEntry)
    requires
        f.kind == EntryKind::File,
    ensures
        (forall|i: int| 0 <= i < walk.len() ==> #[trigger] walk[i].kind == EntryKind::Directory)
            ==> tally(walk, walk.len() as int) == Ok::<u64, PackError>(0),
        tally(walk, walk.len() as int) matches Ok(t) ==> tally(walk.push(f), (walk.len() + 1) as int)
            == Ok::<u64, PackError>(
            if t + f.len > u64::MAX {
                u64::MAX
            } else {
                (t + f.len) as u64
            },
        ),
{
    lemma_tally_prefix_push(walk, f, walk.len() as int);
    if forall|i: int| 0 <= i < walk.len() ==> #[trigger] walk[i].kind == EntryKind::Directory {
        lemma_tally_dirs_only(walk, walk.len() as int);
    }
}

proof fn lemma_tally_prefix_push(walk: Seq<SourceEntry>, f: SourceEntry, k: int)
    requires
        0 <= k <= walk.len(),
    ensures
        tally(walk.push(f), k) == tally(walk, k),
    decreases k,
{
    if k > 0 {
        lemma_tally_prefix_push(walk, f, k - 1);
        assert(walk.push(f)[k - 1] == walk[k - 1]);
    }
}

proof fn lemma_tally_dirs_only(walk: Seq<SourceEntry>, k: int)
    requires
        0 <= k <= walk.len(),
        forall|i: int| 0 <= i < walk.len() ==> #[trigger] walk[i].kind == EntryKind::Directory,
    ensures
        tally(walk, k) == Ok::<u64, PackError>(0),
    decreases k,
{
    if k > 0 {
        lemma_tally_dirs_only(walk, k - 1);
        assert(walk[k - 1].kind == EntryKind::Directory);
    }
}


proof fn lemma_filter_map_first(cs: Seq<PathComponent>)
    requires
        cs.len() > 0,
        cs[0] is Normal,
    ensures
        cs.filter_map(|c: PathComponent| normal_bytes(c)).len() > 0,
        cs.filter_map(|c: PathComponent| normal_bytes(c))[0] == normal_bytes(cs[0])->Some_0,
    decreases cs.len(),
{
    if cs.len() > 1 {
        lemma_filter_map_first(cs.drop_last());
        assert(cs.drop_last()[0] == cs[0]);
    } else {
        assert(cs.drop_last() =~= Seq::<PathComponent>::empty());
        assert(cs.drop_last().filter_map(|c: PathComponent| normal_bytes(c)) =~= Seq::<
            Seq<u8>,
        >::empty());
    }
}

/// The name reported after unpacking an entry path that passes the check:
/// the first directory (or file) it writes when the path starts with a
/// normal component, and `.` when it starts with `.`.
pub proof fn top_level_is_first_component(cs: Seq<PathComponent>)
    ensures
        output_parts(cs) matches Ok(parts) ==> {
            &&& cs[0] is Normal ==> top_level_of(cs) == parts[0]
            &&& cs[0] is CurDir ==> top_level_of(cs) == seq![0x2eu8]
        },
{
    output_path_is_normal_components(cs);
    if output_parts(cs) is Ok {
        let j = choose|j: int| 0 <= j < cs.len() && #[trigger] cs[j] is Normal;
        assert(cs.len() > 0);
        if cs[0] is Normal {
            lemma_filter_map_first(cs);
        }
    }
}


proof fn lemma_tally_ok_before_other(walk: Seq<SourceEntry>, k: int)
    requires
        0 <= k <= walk.len(),
        forall|j: int| 0 <= j < k ==> (#[trigger] walk[j]).kind != EntryKind::Other,
    ensures
        tally(walk, k) is Ok,
    decreases k,
{
    if k > 0 {
        lemma_tally_ok_before_other(walk, k - 1);
        assert(walk[k - 1].kind != EntryKind::Other);
    }
}

/// A walk is refused exactly when it meets an entry that is neither a file
/// nor a directory, and the refusal names the first such entry.
pub proof fn first_unsupported_entry_is_reported(walk: Seq<SourceEntry>, i: int)
    ensures
        (forall|j: int| 0 <= j < walk.len() ==> (#[trigger] walk[j]).kind != EntryKind::Other)
            ==> tally(walk, walk.len() as int) is Ok,
        0 <= i < walk.len() && walk[i].kind == EntryKind::Other && (forall|j: int|
            0 <= j < i ==> (#[trigger] walk[j]).kind != EntryKind::Other) ==> tally(
            walk,
            walk.len() as int,
        ) == Err::<u64, PackError>(PackError::UnsupportedSourcePath(i as usize)),
{
    if forall|j: int| 0 <= j < walk.len() ==> (#[trigger] walk[j]).kind != EntryKind::Other {
        lemma_tally_ok_before_other(walk, walk.len() as int);
    }
    if 0 <= i < walk.len() && walk[i].kind == EntryKind::Other && (forall|j: int|
        0 <= j < i ==> (#[trigger] walk[j]).kind != EntryKind::Other) {
        lemma_tally_ok_before_other(walk, i);
        lemma_tally_error_sticks(walk, i + 1, walk.len() as int);
    }
}

} // verus!
